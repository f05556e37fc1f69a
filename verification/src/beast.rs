//! Beast binary framing.
//!
//! A message is `0x1A`, a type byte, six bytes of timestamp, one of signal level and
//! the frame. Behind the leading marker every `0x1A` is doubled.

use crate::crc::SHORT_FRAME_BYTES;
use crate::frame::{Frame, FrameModel};
use vstd::prelude::*;

verus! {

/// Conventional port of the Beast output.
pub const DEFAULT_PORT: u16 = 30_005;

/// The marker that opens a message.
pub const MARKER: u8 = 0x1A;

/// A byte, doubled if it is the marker.
pub open spec fn escaped_byte(b: u8) -> Seq<u8> {
    if b == MARKER {
        seq![b, b]
    } else {
        seq![b]
    }
}

/// The bytes with every marker doubled.
pub open spec fn escaped(bytes: Seq<u8>) -> Seq<u8>
    decreases bytes.len(),
{
    if bytes.len() == 0 {
        Seq::empty()
    } else {
        escaped(bytes.drop_last()) + escaped_byte(bytes.last())
    }
}

/// The bytes with every doubled marker made single.
pub open spec fn unescaped(s: Seq<u8>) -> Seq<u8>
    decreases s.len(),
{
    if s.len() == 0 {
        Seq::empty()
    } else if s[0] == MARKER && s.len() >= 2 && s[1] == MARKER {
        seq![MARKER] + unescaped(s.skip(2))
    } else {
        seq![s[0]] + unescaped(s.skip(1))
    }
}

/// Markers occur in pairs only.
pub open spec fn markers_are_paired(s: Seq<u8>) -> bool
    decreases s.len(),
{
    if s.len() == 0 {
        true
    } else if s[0] == MARKER {
        s.len() >= 2 && s[1] == MARKER && markers_are_paired(s.skip(2))
    } else {
        markers_are_paired(s.skip(1))
    }
}

/// The first byte of a text is escaped first.
proof fn lemma_escaped_front(bytes: Seq<u8>)
    requires
        bytes.len() > 0,
    ensures
        escaped(bytes) == escaped_byte(bytes[0]) + escaped(bytes.skip(1)),
    decreases bytes.len(),
{
    if bytes.len() == 1 {
        assert(bytes.drop_last() =~= Seq::<u8>::empty());
        assert(bytes.skip(1) =~= Seq::<u8>::empty());
        assert(escaped(bytes) =~= escaped_byte(bytes[0]) + escaped(bytes.skip(1)));
    } else {
        let front = bytes.drop_last();
        lemma_escaped_front(front);
        assert(front.skip(1) =~= bytes.skip(1).drop_last());
        assert(bytes.skip(1).last() == bytes.last());
        assert(escaped(bytes) =~= escaped_byte(bytes[0]) + escaped(bytes.skip(1)));
    }
}

/// Escaping loses nothing: the bytes can be read back.
pub proof fn law_unescape_after_escape(bytes: Seq<u8>)
    ensures
        unescaped(escaped(bytes)) == bytes,
    decreases bytes.len(),
{
    if bytes.len() > 0 {
        let rest = bytes.skip(1);
        lemma_escaped_front(bytes);
        law_unescape_after_escape(rest);
        let s = escaped(bytes);
        let n = escaped_byte(bytes[0]).len() as int;
        assert(s.skip(n) =~= escaped(rest));
        assert(unescaped(s) =~= seq![bytes[0]] + rest);
        assert(seq![bytes[0]] + rest =~= bytes);
    } else {
        assert(unescaped(escaped(bytes)) =~= bytes);
    }
}

/// A lone marker never occurs behind the one that opens a message, so a reader can
/// tell where messages begin.
pub proof fn law_no_lone_marker(bytes: Seq<u8>)
    ensures
        markers_are_paired(escaped(bytes)),
    decreases bytes.len(),
{
    if bytes.len() > 0 {
        lemma_escaped_front(bytes);
        law_no_lone_marker(bytes.skip(1));
        let s = escaped(bytes);
        let n = escaped_byte(bytes[0]).len() as int;
        assert(s.skip(n) =~= escaped(bytes.skip(1)));
    }
}

proof fn lemma_escaped_append(a: Seq<u8>, b: Seq<u8>)
    ensures
        escaped(a + b) == escaped(a) + escaped(b),
    decreases b.len(),
{
    if b.len() == 0 {
        assert(a + b =~= a);
        assert(escaped(a) + escaped(b) =~= escaped(a));
    } else {
        lemma_escaped_append(a, b.drop_last());
        assert((a + b).drop_last() =~= a + b.drop_last());
        assert(escaped(a + b) =~= escaped(a) + escaped(b));
    }
}

/// Ticks of the 12 MHz clock in a time, reduced to 48 bits.
pub open spec fn ticks_of(nanos: int) -> int {
    nanos * 12 / 1000 % 0x1_0000_0000_0000
}

/// Timestamps do not go back, until the clock has used up its 48 bits.
pub proof fn law_timestamps_do_not_go_back(earlier: int, later: int)
    requires
        0 <= earlier <= later,
        later * 12 / 1000 < 0x1_0000_0000_0000,
    ensures
        ticks_of(earlier) <= ticks_of(later),
{
}

/// The six bytes of a timestamp tell it.
pub proof fn law_timestamp_bytes_tell_ticks(ticks: int)
    requires
        0 <= ticks < 0x1_0000_0000_0000,
    ensures
        ({
            let b = timestamp_bytes(ticks);
            256 * (256 * (256 * (256 * (256 * b[0] + b[1]) + b[2]) + b[3]) + b[4]) + b[5] == ticks
        }),
{
}

/// Six bytes of timestamp, most significant first.
pub open spec fn timestamp_bytes(ticks: int) -> Seq<u8> {
    seq![
        (ticks / 0x100_0000_0000 % 256) as u8,
        (ticks / 0x1_0000_0000 % 256) as u8,
        (ticks / 0x100_0000 % 256) as u8,
        (ticks / 0x1_0000 % 256) as u8,
        (ticks / 0x100 % 256) as u8,
        (ticks % 256) as u8,
    ]
}

/// The type byte of a frame: `0x32` for short frames, `0x33` for long ones.
pub open spec fn mode_of(len: int) -> u8 {
    if len == SHORT_FRAME_BYTES {
        0x32
    } else {
        0x33
    }
}

/// The message that carries a frame.
pub open spec fn beast_message(frame: FrameModel, ticks: int) -> Seq<u8> {
    seq![MARKER] + escaped(
        seq![mode_of(frame.bytes.len() as int)] + timestamp_bytes(ticks) + seq![frame.confidence] + frame.bytes,
    )
}

/// Timestamp for a time since the session began, given in nanoseconds.
#[must_use]
pub fn mlat_timestamp(nanos: u128) -> (ticks: u64)
    requires
        12 * nanos <= u128::MAX,
    ensures
        ticks == ticks_of(nanos as int),
        ticks < 0x1_0000_0000_0000,
{
    (nanos * 12 / 1000 % 0x1_0000_0000_0000) as u64
}

/// Appends `bytes` to `out`, doubling every marker.
pub fn push_escaped(out: &mut Vec<u8>, bytes: &[u8])
    ensures
        final(out)@ == old(out)@ + escaped(bytes@),
{
    let ghost before = out@;
    let mut i: usize = 0;
    assert(before + escaped(bytes@.take(0)) =~= before);
    while i < bytes.len()
        invariant
            i <= bytes@.len(),
            out@ == before + escaped(bytes@.take(i as int)),
        decreases bytes@.len() - i,
    {
        let b: u8 = bytes[i];
        out.push(b);
        if b == MARKER {
            out.push(MARKER);
        }
        i += 1;
        assert(bytes@.take(i as int).drop_last() =~= bytes@.take(i - 1));
        assert(out@ =~= before + escaped(bytes@.take(i as int)));
    }
    assert(bytes@.take(bytes@.len() as int) =~= bytes@);
}

/// Appends the message that carries `frame`, received `nanos` nanoseconds after the
/// session began.
pub fn encode_beast_frame(frame: &Frame, nanos: u128, out: &mut Vec<u8>)
    requires
        12 * nanos <= u128::MAX,
    ensures
        final(out)@ == old(out)@ + beast_message(frame@, ticks_of(nanos as int)),
{
    let ghost before = out@;
    let bytes = frame.bytes();
    let mode: u8 = if bytes.len() == SHORT_FRAME_BYTES {
        0x32
    } else {
        0x33
    };
    let ts: u64 = mlat_timestamp(nanos);
    let header: [u8; 8] = [
        mode,
        (ts / 0x100_0000_0000 % 256) as u8,
        (ts / 0x1_0000_0000 % 256) as u8,
        (ts / 0x100_0000 % 256) as u8,
        (ts / 0x1_0000 % 256) as u8,
        (ts / 0x100 % 256) as u8,
        (ts % 256) as u8,
        frame.confidence(),
    ];
    out.push(MARKER);
    push_escaped(out, header.as_slice());
    push_escaped(out, bytes);
    proof {
        let head = seq![mode_of(frame@.bytes.len() as int)] + timestamp_bytes(ts as int) + seq![frame@.confidence];
        assert(header@ =~= head);
        lemma_escaped_append(head, frame@.bytes);
        assert(out@ =~= before + (seq![MARKER] + escaped(head + frame@.bytes)));
    }
}

/// The message for a frame whose CRC holds; nothing for any other.
#[must_use]
pub fn feed(frame: &Frame, nanos: u128) -> (m: Option<Vec<u8>>)
    requires
        12 * nanos <= u128::MAX,
    ensures
        match m {
            Some(v) => frame@.is_validated() && v@ == beast_message(frame@, ticks_of(nanos as int)),
            None => !frame@.is_validated(),
        },
{
    if !frame.is_validated() {
        return None;
    }
    let mut out: Vec<u8> = Vec::new();
    encode_beast_frame(frame, nanos, &mut out);
    assert(Seq::<u8>::empty() + beast_message(frame@, ticks_of(nanos as int)) =~= beast_message(
        frame@,
        ticks_of(nanos as int),
    ));
    Some(out)
}

/// A reader that finds a marker, and makes the doubled ones behind it single, has the type
/// of the frame (`0x32` if it is of 7 bytes, `0x33` if not), 48 bits of time, the signal
/// level and the frame.
pub proof fn law_reader_recovers_frame(frame: FrameModel, ticks: int)
    requires
        0 <= ticks < 0x1_0000_0000_0000,
    ensures
        ({
            let m = beast_message(frame, ticks);
            let r = unescaped(m.skip(1));
            &&& m.len() >= 1
            &&& m[0] == 0x1A
            &&& r.len() == 8 + frame.bytes.len()
            &&& r[0] == if frame.bytes.len() == 7 {
                0x32u8
            } else {
                0x33u8
            }
            &&& 256 * (256 * (256 * (256 * (256 * r[1] + r[2]) + r[3]) + r[4]) + r[5]) + r[6] == ticks
            &&& r[7] == frame.confidence
            &&& r.skip(8) == frame.bytes
        }),
{
    let body = seq![mode_of(frame.bytes.len() as int)] + timestamp_bytes(ticks) + seq![frame.confidence]
        + frame.bytes;
    let m = beast_message(frame, ticks);
    law_unescape_after_escape(body);
    law_timestamp_bytes_tell_ticks(ticks);
    assert(m.skip(1) =~= escaped(body));
    assert(body.skip(8) =~= frame.bytes);
    assert(forall|k: int| 0 <= k < 6 ==> body[k + 1] == #[trigger] timestamp_bytes(ticks)[k]);
    assert(body[1] == timestamp_bytes(ticks)[0]);
    assert(body[2] == timestamp_bytes(ticks)[1]);
    assert(body[3] == timestamp_bytes(ticks)[2]);
    assert(body[4] == timestamp_bytes(ticks)[3]);
    assert(body[5] == timestamp_bytes(ticks)[4]);
    assert(body[6] == timestamp_bytes(ticks)[5]);
}

/// A timestamp counts the whole 12ths of a microsecond that have passed, for as long as 48
/// bits hold them.
pub proof fn law_ticks_measure_time(nanos: int)
    requires
        0 <= nanos,
        12 * nanos < 1000 * 0x1_0000_0000_0000,
    ensures
        1000 * ticks_of(nanos) <= 12 * nanos < 1000 * ticks_of(nanos) + 1000,
{
}

} // verus!

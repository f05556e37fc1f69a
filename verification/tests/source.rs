//! Sample sources.

use rs1090::source::{restore_bias, IqFileSource, ReadAction, ReadOutcome, SampleSource};
use rs1090::Iq;
use std::io::{self, Read};

/// Reads samples from any reader, as a program would.
fn read_samples<R: Read>(src: &mut IqFileSource<R>, out: &mut [Iq]) -> io::Result<usize> {
    let mut scratch = [0u8; 4096];
    let mut action = src.begin(out.len());
    loop {
        match action {
            ReadAction::Request(n) => {
                let (outcome, got) = match src.reader_mut().read(&mut scratch[..n]) {
                    Ok(k) => (ReadOutcome::Got(k), k),
                    Err(e) if e.kind() == io::ErrorKind::Interrupted => (ReadOutcome::Interrupted, 0),
                    Err(e) => {
                        src.advance(out.len(), ReadOutcome::Failed, &[]);
                        return Err(e);
                    }
                };
                action = src.advance(out.len(), outcome, &scratch[..got]);
            }
            ReadAction::Deliver => return Ok(src.deliver(out)),
            ReadAction::Abort => unreachable!(),
        }
    }
}

#[test]
fn file_source_reads_samples() {
    let bytes: &[u8] = &[1, 2, 0xFD, 0xFC, 0x7F, 0x80];
    let mut src = IqFileSource::new(bytes, 2_000_000, 1_090_000_000);
    let mut out = [Iq::default(); 4];
    let n = src.read(&mut out).unwrap();
    assert_eq!(n, 3);
    assert_eq!(out[0], Iq::new(1, 2));
    assert_eq!(out[1], Iq::new(-3, -4));
    assert_eq!(out[2], Iq::new(127, -128));
    let n = src.read(&mut out).unwrap();
    assert_eq!(n, 0);
}

#[test]
fn file_source_handles_short_reads() {
    struct OneByteAtATime<'a>(&'a [u8]);
    impl Read for OneByteAtATime<'_> {
        fn read(&mut self, buf: &mut [u8]) -> io::Result<usize> {
            if self.0.is_empty() || buf.is_empty() {
                return Ok(0);
            }
            buf[0] = self.0[0];
            self.0 = &self.0[1..];
            Ok(1)
        }
    }
    let bytes: &[u8] = &[10, 20, 30, 40];
    let mut src = IqFileSource::new(OneByteAtATime(bytes), 2_000_000, 1_090_000_000);
    let mut out = [Iq::default(); 4];
    let n = read_samples(&mut src, &mut out).unwrap();
    assert_eq!(n, 2);
    assert_eq!(out[0], Iq::new(10, 20));
    assert_eq!(out[1], Iq::new(30, 40));
}

#[test]
fn file_source_drops_trailing_half_sample() {
    let bytes: &[u8] = &[1, 2, 3];
    let mut src = IqFileSource::new(bytes, 2_000_000, 1_090_000_000);
    let mut out = [Iq::default(); 4];
    let n = src.read(&mut out).unwrap();
    assert_eq!(n, 1);
    assert_eq!(out[0], Iq::new(1, 2));
}

#[test]
fn file_source_reports_rate_and_freq() {
    let bytes: &[u8] = &[];
    let src = IqFileSource::new(bytes, 2_400_000, 1_090_000_000);
    assert_eq!(src.sample_rate(), 2_400_000);
    assert_eq!(src.center_freq(), 1_090_000_000);
    assert_eq!(SampleSource::sample_rate(&src), 2_400_000);
    assert_eq!(SampleSource::center_freq(&src), 1_090_000_000);
}

#[test]
fn file_source_hands_out_scratch_sized_pieces() {
    let bytes: Vec<u8> = (0..10_000u32).map(|k| k as u8).collect();
    let mut src = IqFileSource::new(&bytes[..], 2_000_000, 1_090_000_000);
    let mut out = vec![Iq::default(); 4000];
    assert_eq!(src.read(&mut out), Ok(2048));
    assert_eq!(out[2047], Iq::new(-2, -1));
    assert_eq!(src.read(&mut out), Ok(2048));
    assert_eq!(src.read(&mut out), Ok(904));
    assert_eq!(src.read(&mut out), Ok(0));
    let mut none: [Iq; 0] = [];
    assert_eq!(src.read(&mut none), Ok(0));
}

#[test]
fn failing_and_interrupted_readers() {
    struct Flaky(u32);
    impl Read for Flaky {
        fn read(&mut self, buf: &mut [u8]) -> io::Result<usize> {
            self.0 += 1;
            match self.0 {
                1 => {
                    buf[0] = 9;
                    Ok(1)
                }
                2 => Err(io::Error::new(io::ErrorKind::Interrupted, "again")),
                3 => {
                    buf[0] = 8;
                    Ok(1)
                }
                4 => Ok(0),
                5 => {
                    buf[0] = 7;
                    Ok(1)
                }
                6 => Err(io::Error::new(io::ErrorKind::Other, "gone")),
                _ => Ok(0),
            }
        }
    }
    let mut src = IqFileSource::new(Flaky(0), 2_000_000, 1_090_000_000);
    let mut out = [Iq::default(); 4];
    assert_eq!(read_samples(&mut src, &mut out).unwrap(), 1);
    assert_eq!(out[0], Iq::new(9, 8));
    assert!(read_samples(&mut src, &mut out).is_err());
    // What the failed read had collected is forgotten.
    assert_eq!(read_samples(&mut src, &mut out).unwrap(), 0);
}

#[test]
fn bias_is_restored_and_removed() {
    let mut b = [0x80u8, 0xFF, 0x00, 0x7F];
    restore_bias(&mut b);
    assert_eq!(b, [0x00, 0x7F, 0x80, 0xFF]);
    restore_bias(&mut b);
    assert_eq!(b, [0x80, 0xFF, 0x00, 0x7F]);
}
